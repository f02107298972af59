//! The envelope wire grammar.
//!
//! An envelope is the logical message carried by one frame: the sender's
//! credentials, a destination label, and the text content.  On the wire
//! it is a JSON-shaped text with a fixed key order and no extra
//! whitespace:
//!
//! `{"from":{"username":U,"pwd":P,"token":T},"to":D,"content":C}`
//!
//! where each of `U`, `P`, `T`, `D`, `C` is a quoted string in which
//! `"` and `\` are escaped with a backslash and every other character
//! stands for itself.  The parser accepts exactly this canonical form,
//! so parsing is a full inverse of serialization.
use vstd::prelude::*;

verus! {

/// The identity part of an envelope: who a message is from.
///
/// `pwd` carries the password digest, except on the registration
/// endpoint, where it carries the plain password and the server digests
/// it before storing anything.
pub struct Credentials {
    pub username: String,
    pub pwd: String,
    pub token: String,
}

/// The logical message carried by one frame.
pub struct Envelope {
    pub from: Credentials,
    pub to: String,
    pub content: String,
}

/// The mathematical content of an envelope: its five text fields.
#[verifier::ext_equal]
pub ghost struct EnvelopeData {
    pub username: Seq<char>,
    pub pwd: Seq<char>,
    pub token: Seq<char>,
    pub to: Seq<char>,
    pub content: Seq<char>,
}

impl View for Envelope {
    type V = EnvelopeData;

    open spec fn view(&self) -> EnvelopeData {
        EnvelopeData {
            username: self.from.username@,
            pwd: self.from.pwd@,
            token: self.from.token@,
            to: self.to@,
            content: self.content@,
        }
    }
}

impl Credentials {
    /// A fresh identity with no session token yet.
    pub fn new(username: String, pwd: String) -> (r: Credentials)
        ensures
            r.username@ == username@,
            r.pwd@ == pwd@,
            r.token@ == Seq::<char>::empty(),
    {
        let token = String::new();
        assert(token@ =~= Seq::<char>::empty());
        Credentials { username, pwd, token }
    }
}

impl Envelope {
    pub fn new(from: Credentials, to: String, content: String) -> (r: Envelope)
        ensures
            r.from.username@ == from.username@,
            r.from.pwd@ == from.pwd@,
            r.from.token@ == from.token@,
            r.to@ == to@,
            r.content@ == content@,
    {
        Envelope { from, to, content }
    }
}

/// The characters that stand for `c` inside a quoted string.
pub open spec fn esc_char(c: char) -> Seq<char> {
    if c == '"' {
        seq!['\\', '"']
    } else if c == '\\' {
        seq!['\\', '\\']
    } else {
        seq![c]
    }
}

/// The escaped form of a text: each character replaced by `esc_char`.
pub open spec fn spec_escape(s: Seq<char>) -> Seq<char>
    decreases s.len(),
{
    if s.len() == 0 {
        Seq::empty()
    } else {
        esc_char(s[0]) + spec_escape(s.drop_first())
    }
}

/// A quoted string: the escaped text between two quote characters.
pub open spec fn spec_quote(s: Seq<char>) -> Seq<char> {
    seq!['"'] + spec_escape(s) + seq!['"']
}

pub open spec fn lit_from() -> Seq<char> {
    "{\"from\":{\"username\":"@
}

pub open spec fn lit_pwd() -> Seq<char> {
    ",\"pwd\":"@
}

pub open spec fn lit_token() -> Seq<char> {
    ",\"token\":"@
}

pub open spec fn lit_to() -> Seq<char> {
    "},\"to\":"@
}

pub open spec fn lit_content() -> Seq<char> {
    ",\"content\":"@
}

pub open spec fn lit_close() -> Seq<char> {
    "}"@
}

/// The canonical serialized text of an envelope.
pub open spec fn spec_serialize(d: EnvelopeData) -> Seq<char> {
    lit_from() + spec_quote(d.username) + lit_pwd() + spec_quote(d.pwd) + lit_token()
        + spec_quote(d.token) + lit_to() + spec_quote(d.to) + lit_content() + spec_quote(d.content)
        + lit_close()
}

/// Escaping distributes over concatenation.
pub proof fn lemma_escape_concat(a: Seq<char>, b: Seq<char>)
    ensures
        spec_escape(a + b) == spec_escape(a) + spec_escape(b),
    decreases a.len(),
{
    if a.len() == 0 {
        assert(a + b =~= b);
        assert(spec_escape(a) + spec_escape(b) =~= spec_escape(b));
    } else {
        assert((a + b).drop_first() =~= a.drop_first() + b);
        lemma_escape_concat(a.drop_first(), b);
        assert(spec_escape(a + b) =~= spec_escape(a) + spec_escape(b));
    }
}

/// Append the escaped form of `s` to `out`.
fn append_escaped(out: &mut String, s: &str)
    ensures
        final(out)@ == old(out)@ + spec_escape(s@),
{
    let ghost orig = out@;
    let n = s.unicode_len();
    let mut i: usize = 0;
    assert(out@ =~= orig + spec_escape(s@.subrange(0, 0)));
    while i < n
        invariant
            n == s@.len(),
            i <= n,
            out@ == orig + spec_escape(s@.subrange(0, i as int)),
        decreases n - i,
    {
        let ghost c = s@[i as int];
        let ch = s.get_char(i);
        if ch == '"' {
            out.append("\\\"");
            proof {
                reveal_strlit("\\\"");
                assert("\\\""@ =~= esc_char(c));
            }
        } else if ch == '\\' {
            out.append("\\\\");
            proof {
                reveal_strlit("\\\\");
                assert("\\\\"@ =~= esc_char(c));
            }
        } else {
            let piece = s.substring_char(i, i + 1);
            assert(piece@ =~= esc_char(c));
            out.append(piece);
        }
        proof {
            reveal_with_fuel(spec_escape, 2);
            assert(s@.subrange(0, i as int + 1) =~= s@.subrange(0, i as int) + seq![c]);
            lemma_escape_concat(s@.subrange(0, i as int), seq![c]);
            assert(seq![c].drop_first() =~= Seq::<char>::empty());
            assert(spec_escape(seq![c]) =~= esc_char(c));
            assert(out@ =~= orig + spec_escape(s@.subrange(0, i as int + 1)));
        }
        i = i + 1;
    }
    assert(s@.subrange(0, n as int) =~= s@);
}

/// Append the quoted form of `s` to `out`.
fn append_quoted(out: &mut String, s: &str)
    ensures
        final(out)@ == old(out)@ + spec_quote(s@),
{
    out.append("\"");
    proof {
        reveal_strlit("\"");
        assert("\""@ =~= seq!['"']);
    }
    append_escaped(out, s);
    out.append("\"");
    assert(out@ =~= old(out)@ + spec_quote(s@));
}

/// Serialize an envelope into its canonical wire text.
pub fn serialize_envelope(e: &Envelope) -> (r: String)
    ensures
        r@ == spec_serialize(e@),
{
    let mut out = String::new();
    out.append("{\"from\":{\"username\":");
    append_quoted(&mut out, e.from.username.as_str());
    out.append(",\"pwd\":");
    append_quoted(&mut out, e.from.pwd.as_str());
    out.append(",\"token\":");
    append_quoted(&mut out, e.from.token.as_str());
    out.append("},\"to\":");
    append_quoted(&mut out, e.to.as_str());
    out.append(",\"content\":");
    append_quoted(&mut out, e.content.as_str());
    out.append("}");
    assert(out@ =~= spec_serialize(e@));
    out
}

/// One parsing step inside a quoted string, after the opening quote:
/// from position `j`, the text up to the closing quote and the position
/// just past it, or `None` if the input is not in canonical form.
pub open spec fn spec_parse_qbody(s: Seq<char>, j: int) -> Option<(Seq<char>, int)>
    decreases s.len() - j,
    when 0 <= j <= s.len()
{
    if j >= s.len() {
        None
    } else if s[j] == '"' {
        Some((Seq::empty(), j + 1))
    } else if s[j] == '\\' {
        if j + 1 < s.len() && (s[j + 1] == '"' || s[j + 1] == '\\') {
            match spec_parse_qbody(s, j + 2) {
                Some((t, end)) => Some((seq![s[j + 1]] + t, end)),
                None => None,
            }
        } else {
            None
        }
    } else {
        match spec_parse_qbody(s, j + 1) {
            Some((t, end)) => Some((seq![s[j]] + t, end)),
            None => None,
        }
    }
}

/// A quoted string at position `i`: the unescaped text and the position
/// just past the closing quote.
pub open spec fn spec_parse_qstring(s: Seq<char>, i: int) -> Option<(Seq<char>, int)> {
    if 0 <= i < s.len() && s[i] == '"' {
        spec_parse_qbody(s, i + 1)
    } else {
        None
    }
}

/// True when `lit` occurs in `s` at position `i`.
pub open spec fn spec_match_lit(s: Seq<char>, i: int, lit: Seq<char>) -> bool {
    0 <= i && i + lit.len() <= s.len() && s.subrange(i, i + lit.len()) == lit
}

/// The envelope whose canonical serialization is exactly `s`, if any.
pub open spec fn spec_parse_envelope(s: Seq<char>) -> Option<EnvelopeData> {
    if !spec_match_lit(s, 0, lit_from()) {
        None
    } else {
        match spec_parse_qstring(s, lit_from().len() as int) {
            None => None,
            Some((username, i1)) => if !spec_match_lit(s, i1, lit_pwd()) {
                None
            } else {
                match spec_parse_qstring(s, i1 + lit_pwd().len()) {
                    None => None,
                    Some((pwd, i2)) => if !spec_match_lit(s, i2, lit_token()) {
                        None
                    } else {
                        match spec_parse_qstring(s, i2 + lit_token().len()) {
                            None => None,
                            Some((token, i3)) => if !spec_match_lit(s, i3, lit_to()) {
                                None
                            } else {
                                match spec_parse_qstring(s, i3 + lit_to().len()) {
                                    None => None,
                                    Some((to, i4)) => if !spec_match_lit(s, i4, lit_content()) {
                                        None
                                    } else {
                                        match spec_parse_qstring(s, i4 + lit_content().len()) {
                                            None => None,
                                            Some((content, i5)) => if spec_match_lit(
                                                s,
                                                i5,
                                                lit_close(),
                                            ) && i5 + lit_close().len() == s.len() {
                                                Some(
                                                    EnvelopeData {
                                                        username,
                                                        pwd,
                                                        token,
                                                        to,
                                                        content,
                                                    },
                                                )
                                            } else {
                                                None
                                            },
                                        }
                                    },
                                }
                            },
                        }
                    },
                }
            },
        }
    }
}

/// Check that `lit` occurs in `s` at position `i`; on success return the
/// position just past it.
fn expect_lit(s: &str, n: usize, i: usize, lit: &str) -> (r: Option<usize>)
    requires
        n == s@.len(),
    ensures
        r is Some ==> spec_match_lit(s@, i as int, lit@) && r->0 == i + lit@.len(),
        r is None ==> !spec_match_lit(s@, i as int, lit@),
{
    let m = lit.unicode_len();
    if i > n || n - i < m {
        return None;
    }
    let mut k: usize = 0;
    while k < m
        invariant
            m == lit@.len(),
            n == s@.len(),
            i + m <= n,
            k <= m,
            forall|q: int| 0 <= q < k ==> s@[i + q] == lit@[q],
        decreases m - k,
    {
        if s.get_char(i + k) != lit.get_char(k) {
            proof {
                if spec_match_lit(s@, i as int, lit@) {
                    assert(s@.subrange(i as int, i + lit@.len())[k as int] == lit@[k as int]);
                }
            }
            return None;
        }
        k = k + 1;
    }
    proof {
        assert(s@.subrange(i as int, i + lit@.len()) =~= lit@);
    }
    Some(i + m)
}

/// Read a quoted string at position `i`; on success return the unescaped
/// text and the position just past the closing quote.
fn parse_qstring(s: &str, n: usize, i: usize) -> (r: Option<(String, usize)>)
    requires
        n == s@.len(),
    ensures
        match r {
            Some(p) => spec_parse_qstring(s@, i as int) == Some((p.0@, p.1 as int)) && p.1 <= n,
            None => spec_parse_qstring(s@, i as int) is None,
        },
{
    if i >= n {
        return None;
    }
    if s.get_char(i) != '"' {
        return None;
    }
    let mut out = String::new();
    let mut j: usize = i + 1;
    proof {
        match spec_parse_qbody(s@, i as int + 1) {
            Some(p) => {
                assert(Seq::<char>::empty() + p.0 =~= p.0);
            },
            None => {},
        }
    }
    while j < n
        invariant
            n == s@.len(),
            i + 1 <= j <= n,
            spec_parse_qstring(s@, i as int) == (match spec_parse_qbody(s@, j as int) {
                Some(p) => Some((out@ + p.0, p.1)),
                None => None,
            }),
        decreases n - j,
    {
        let c = s.get_char(j);
        if c == '"' {
            proof {
                assert(out@ + Seq::<char>::empty() =~= out@);
            }
            return Some((out, j + 1));
        } else if c == '\\' {
            if j + 1 >= n {
                return None;
            }
            let d = s.get_char(j + 1);
            if d == '"' {
                out.append("\"");
                proof {
                    reveal_strlit("\"");
                    assert("\""@ =~= seq![s@[j as int + 1]]);
                }
            } else if d == '\\' {
                out.append("\\");
                proof {
                    reveal_strlit("\\");
                    assert("\\"@ =~= seq![s@[j as int + 1]]);
                }
            } else {
                return None;
            }
            proof {
                match spec_parse_qbody(s@, j as int + 2) {
                    Some(p) => {
                        assert(out@ + p.0 =~= (out@.subrange(0, out@.len() - 1)) + (seq![
                            s@[j as int + 1],
                        ] + p.0));
                    },
                    None => {},
                }
            }
            j = j + 2;
        } else {
            let piece = s.substring_char(j, j + 1);
            assert(piece@ =~= seq![s@[j as int]]);
            out.append(piece);
            proof {
                match spec_parse_qbody(s@, j as int + 1) {
                    Some(p) => {
                        assert(out@ + p.0 =~= (out@.subrange(0, out@.len() - 1)) + (seq![
                            s@[j as int],
                        ] + p.0));
                    },
                    None => {},
                }
            }
            j = j + 1;
        }
    }
    None
}

/// Parse a canonical envelope text; accepts exactly the serializer's
/// output and recovers the envelope it came from.
pub fn parse_envelope(s: &str) -> (r: Option<Envelope>)
    ensures
        match r {
            Some(e) => spec_parse_envelope(s@) == Some(e@),
            None => spec_parse_envelope(s@) is None,
        },
{
    let n = s.unicode_len();
    let i0 = match expect_lit(s, n, 0, "{\"from\":{\"username\":") {
        Some(i) => i,
        None => {
            return None;
        },
    };
    let (username, i1) = match parse_qstring(s, n, i0) {
        Some(p) => p,
        None => {
            return None;
        },
    };
    let i1b = match expect_lit(s, n, i1, ",\"pwd\":") {
        Some(i) => i,
        None => {
            return None;
        },
    };
    let (pwd, i2) = match parse_qstring(s, n, i1b) {
        Some(p) => p,
        None => {
            return None;
        },
    };
    let i2b = match expect_lit(s, n, i2, ",\"token\":") {
        Some(i) => i,
        None => {
            return None;
        },
    };
    let (token, i3) = match parse_qstring(s, n, i2b) {
        Some(p) => p,
        None => {
            return None;
        },
    };
    let i3b = match expect_lit(s, n, i3, "},\"to\":") {
        Some(i) => i,
        None => {
            return None;
        },
    };
    let (to, i4) = match parse_qstring(s, n, i3b) {
        Some(p) => p,
        None => {
            return None;
        },
    };
    let i4b = match expect_lit(s, n, i4, ",\"content\":") {
        Some(i) => i,
        None => {
            return None;
        },
    };
    let (content, i5) = match parse_qstring(s, n, i4b) {
        Some(p) => p,
        None => {
            return None;
        },
    };
    let i6 = match expect_lit(s, n, i5, "}") {
        Some(i) => i,
        None => {
            return None;
        },
    };
    if i6 != n {
        return None;
    }
    Some(Envelope { from: Credentials { username, pwd, token }, to, content })
}

pub open spec fn lit_user() -> Seq<char> {
    "{\"username\":"@
}

/// The canonical serialized text of a credentials request, the payload
/// of the registration and login endpoints: username and password (or
/// password digest), with no token yet.
pub open spec fn spec_serialize_credentials(u: Seq<char>, p: Seq<char>) -> Seq<char> {
    lit_user() + spec_quote(u) + lit_pwd() + spec_quote(p) + lit_close()
}

/// Serialize a credentials request into its canonical wire text.
pub fn serialize_credentials(username: &str, pwd: &str) -> (r: String)
    ensures
        r@ == spec_serialize_credentials(username@, pwd@),
{
    let mut out = String::new();
    out.append("{\"username\":");
    append_quoted(&mut out, username);
    out.append(",\"pwd\":");
    append_quoted(&mut out, pwd);
    out.append("}");
    assert(out@ =~= spec_serialize_credentials(username@, pwd@));
    out
}

/// The credentials pair whose canonical serialization is exactly `s`,
/// if any.
pub open spec fn spec_parse_credentials(s: Seq<char>) -> Option<(Seq<char>, Seq<char>)> {
    if !spec_match_lit(s, 0, lit_user()) {
        None
    } else {
        match spec_parse_qstring(s, lit_user().len() as int) {
            None => None,
            Some((username, i1)) => if !spec_match_lit(s, i1, lit_pwd()) {
                None
            } else {
                match spec_parse_qstring(s, i1 + lit_pwd().len()) {
                    None => None,
                    Some((pwd, i2)) => if spec_match_lit(s, i2, lit_close()) && i2
                        + lit_close().len() == s.len() {
                        Some((username, pwd))
                    } else {
                        None
                    },
                }
            },
        }
    }
}

/// Parse a canonical credentials request; accepts exactly the
/// serializer's output and recovers the pair it came from.
pub fn parse_credentials(s: &str) -> (r: Option<(String, String)>)
    ensures
        match r {
            Some(p) => spec_parse_credentials(s@) == Some((p.0@, p.1@)),
            None => spec_parse_credentials(s@) is None,
        },
{
    let n = s.unicode_len();
    let i0 = match expect_lit(s, n, 0, "{\"username\":") {
        Some(i) => i,
        None => {
            return None;
        },
    };
    let (username, i1) = match parse_qstring(s, n, i0) {
        Some(p) => p,
        None => {
            return None;
        },
    };
    let i1b = match expect_lit(s, n, i1, ",\"pwd\":") {
        Some(i) => i,
        None => {
            return None;
        },
    };
    let (pwd, i2) = match parse_qstring(s, n, i1b) {
        Some(p) => p,
        None => {
            return None;
        },
    };
    let i3 = match expect_lit(s, n, i2, "}") {
        Some(i) => i,
        None => {
            return None;
        },
    };
    if i3 != n {
        return None;
    }
    Some((username, pwd))
}

/// Parsing a quoted-string body consumes exactly the escaped form of
/// `f` up to the closing quote and recovers `f`.
proof fn lemma_parse_qbody_escape(s: Seq<char>, j: int, f: Seq<char>)
    requires
        0 <= j,
        j + spec_escape(f).len() + 1 <= s.len(),
        s.subrange(j, j + spec_escape(f).len()) == spec_escape(f),
        s[j + spec_escape(f).len()] == '"',
    ensures
        spec_parse_qbody(s, j) == Some((f, j + spec_escape(f).len() + 1)),
    decreases f.len(),
{
    let esc = spec_escape(f);
    if f.len() == 0 {
        assert(f =~= Seq::<char>::empty());
    } else {
        let c = f[0];
        let f1 = f.drop_first();
        let esc1 = spec_escape(f1);
        assert(esc == esc_char(c) + esc1);
        let w = esc_char(c).len() as int;
        assert(esc1.len() == esc.len() - w);
        assert forall|k: int| 0 <= k < esc1.len() implies s.subrange(
            j + w,
            j + w + esc1.len(),
        )[k] == esc1[k] by {
            assert(s.subrange(j, j + esc.len())[w + k] == esc[w + k]);
            assert(esc[w + k] == esc1[k]);
        }
        assert(s.subrange(j + w, j + w + esc1.len()) =~= esc1);
        assert(s[j + w + esc1.len()] == '"');
        lemma_parse_qbody_escape(s, j + w, f1);
        assert(s.subrange(j, j + esc.len())[0] == esc[0]);
        assert(s[j] == esc[0]);
        if c == '"' || c == '\\' {
            assert(esc[0] == '\\');
            assert(s.subrange(j, j + esc.len())[1] == esc[1]);
            assert(s[j + 1] == esc[1]);
            assert(esc[1] == c);
            assert(seq![s[j + 1]] + f1 =~= f);
        } else {
            assert(esc[0] == c);
            assert(s[j] != '"' && s[j] != '\\');
            assert(seq![s[j]] + f1 =~= f);
        }
    }
}

/// Parsing a quoted string consumes exactly the quoted form of `f` and
/// recovers `f`.
proof fn lemma_parse_qstring_quote(s: Seq<char>, i: int, f: Seq<char>)
    requires
        0 <= i,
        i + spec_quote(f).len() <= s.len(),
        s.subrange(i, i + spec_quote(f).len()) == spec_quote(f),
    ensures
        spec_parse_qstring(s, i) == Some((f, i + spec_quote(f).len())),
{
    let q = spec_quote(f);
    let esc = spec_escape(f);
    assert(s.subrange(i, i + q.len())[0] == q[0]);
    assert(s[i] == '"');
    assert forall|k: int| 0 <= k < esc.len() implies s.subrange(i + 1, i + 1 + esc.len())[k]
        == esc[k] by {
        assert(s.subrange(i, i + q.len())[1 + k] == q[1 + k]);
        assert(q[1 + k] == esc[k]);
    }
    assert(s.subrange(i + 1, i + 1 + esc.len()) =~= esc);
    assert(s.subrange(i, i + q.len())[q.len() - 1] == q[q.len() - 1]);
    assert(s[i + 1 + esc.len()] == '"');
    lemma_parse_qbody_escape(s, i + 1, f);
}

/// The serialized text of any envelope parses back to that envelope:
/// parsing is a full inverse of serialization.
pub proof fn lemma_parse_serialize(d: EnvelopeData)
    ensures
        spec_parse_envelope(spec_serialize(d)) == Some(d),
{
    reveal_strlit("{\"from\":{\"username\":");
    reveal_strlit(",\"pwd\":");
    reveal_strlit(",\"token\":");
    reveal_strlit("},\"to\":");
    reveal_strlit(",\"content\":");
    reveal_strlit("}");
    let s = spec_serialize(d);
    let qu = spec_quote(d.username);
    let qp = spec_quote(d.pwd);
    let qt = spec_quote(d.token);
    let qd = spec_quote(d.to);
    let qc = spec_quote(d.content);
    let p0 = lit_from().len() as int;
    let i1 = p0 + qu.len();
    let p1 = i1 + lit_pwd().len();
    let i2 = p1 + qp.len();
    let p2 = i2 + lit_token().len();
    let i3 = p2 + qt.len();
    let p3 = i3 + lit_to().len();
    let i4 = p3 + qd.len();
    let p4 = i4 + lit_content().len();
    let i5 = p4 + qc.len();
    assert(s.len() == i5 + 1);
    assert(s.subrange(0, p0) =~= lit_from());
    assert(s.subrange(p0, i1) =~= qu);
    assert(s.subrange(i1, p1) =~= lit_pwd());
    assert(s.subrange(p1, i2) =~= qp);
    assert(s.subrange(i2, p2) =~= lit_token());
    assert(s.subrange(p2, i3) =~= qt);
    assert(s.subrange(i3, p3) =~= lit_to());
    assert(s.subrange(p3, i4) =~= qd);
    assert(s.subrange(i4, p4) =~= lit_content());
    assert(s.subrange(p4, i5) =~= qc);
    assert(s.subrange(i5, i5 + 1) =~= lit_close());
    lemma_parse_qstring_quote(s, p0, d.username);
    lemma_parse_qstring_quote(s, p1, d.pwd);
    lemma_parse_qstring_quote(s, p2, d.token);
    lemma_parse_qstring_quote(s, p3, d.to);
    lemma_parse_qstring_quote(s, p4, d.content);
    assert(spec_parse_envelope(s) == Some(
        EnvelopeData {
            username: d.username,
            pwd: d.pwd,
            token: d.token,
            to: d.to,
            content: d.content,
        },
    ));
    assert(EnvelopeData {
        username: d.username,
        pwd: d.pwd,
        token: d.token,
        to: d.to,
        content: d.content,
    } =~= d);
}

/// A serialized envelope is never empty and always ends in the closing
/// brace, so its UTF-8 bytes never end in a zero byte.
pub proof fn lemma_serialize_last(d: EnvelopeData)
    ensures
        spec_serialize(d).len() > 0,
        spec_serialize(d).last() == '}',
{
    reveal_strlit("}");
    let s = spec_serialize(d);
    assert(s.last() == lit_close()[0]);
}

/// The serialized text of any credentials request parses back to that
/// pair: parsing is a full inverse of serialization.
pub proof fn lemma_parse_serialize_credentials(u: Seq<char>, p: Seq<char>)
    ensures
        spec_parse_credentials(spec_serialize_credentials(u, p)) == Some((u, p)),
{
    reveal_strlit("{\"username\":");
    reveal_strlit(",\"pwd\":");
    reveal_strlit("}");
    let s = spec_serialize_credentials(u, p);
    let qu = spec_quote(u);
    let qp = spec_quote(p);
    let p0 = lit_user().len() as int;
    let i1 = p0 + qu.len();
    let p1 = i1 + lit_pwd().len();
    let i2 = p1 + qp.len();
    assert(s.len() == i2 + 1);
    assert(s.subrange(0, p0) =~= lit_user());
    assert(s.subrange(p0, i1) =~= qu);
    assert(s.subrange(i1, p1) =~= lit_pwd());
    assert(s.subrange(p1, i2) =~= qp);
    assert(s.subrange(i2, i2 + 1) =~= lit_close());
    lemma_parse_qstring_quote(s, p0, u);
    lemma_parse_qstring_quote(s, p1, p);
}

/// A serialized credentials request is never empty and always ends in
/// the closing brace.
pub proof fn lemma_serialize_credentials_last(u: Seq<char>, p: Seq<char>)
    ensures
        spec_serialize_credentials(u, p).len() > 0,
        spec_serialize_credentials(u, p).last() == '}',
{
    reveal_strlit("}");
    let s = spec_serialize_credentials(u, p);
    assert(s.last() == lit_close()[0]);
}

/// What a quoted-string body accepts is exactly the escaped form of
/// its result, closed by a quote.
proof fn lemma_qbody_sound(s: Seq<char>, j: int)
    requires
        0 <= j <= s.len(),
    ensures
        match spec_parse_qbody(s, j) {
            Some(p) => j < p.1 <= s.len() && s.subrange(j, p.1) == spec_escape(p.0) + seq!['"'],
            None => true,
        },
    decreases s.len() - j,
{
    reveal_with_fuel(spec_escape, 2);
    if j < s.len() {
        if s[j] == '"' {
            assert(spec_escape(Seq::<char>::empty()) + seq!['"'] =~= seq!['"']);
            assert(s.subrange(j, j + 1) =~= seq!['"']);
        } else if s[j] == '\\' {
            if j + 1 < s.len() && (s[j + 1] == '"' || s[j + 1] == '\\') {
                lemma_qbody_sound(s, j + 2);
                match spec_parse_qbody(s, j + 2) {
                    Some(p) => {
                        let t = p.0;
                        let end = p.1;
                        lemma_escape_concat(seq![s[j + 1]], t);
                        assert(seq![s[j + 1]].drop_first() =~= Seq::<char>::empty());
                        assert(spec_escape(seq![s[j + 1]]) =~= esc_char(s[j + 1]));
                        assert(esc_char(s[j + 1]) =~= seq![s[j], s[j + 1]]);
                        assert(s.subrange(j, end) =~= seq![s[j], s[j + 1]] + s.subrange(
                            j + 2,
                            end,
                        ));
                        assert(s.subrange(j, end) =~= spec_escape(seq![s[j + 1]] + t)
                            + seq!['"']);
                    },
                    None => {},
                }
            }
        } else {
            lemma_qbody_sound(s, j + 1);
            match spec_parse_qbody(s, j + 1) {
                Some(p) => {
                    let t = p.0;
                    let end = p.1;
                    lemma_escape_concat(seq![s[j]], t);
                    assert(seq![s[j]].drop_first() =~= Seq::<char>::empty());
                    assert(spec_escape(seq![s[j]]) =~= esc_char(s[j]));
                    assert(esc_char(s[j]) =~= seq![s[j]]);
                    assert(s.subrange(j, end) =~= seq![s[j]] + s.subrange(j + 1, end));
                    assert(s.subrange(j, end) =~= spec_escape(seq![s[j]] + t) + seq!['"']);
                },
                None => {},
            }
        }
    }
}

/// What a quoted string accepts is exactly the quoted form of its
/// result.
proof fn lemma_qstring_sound(s: Seq<char>, i: int)
    ensures
        match spec_parse_qstring(s, i) {
            Some(p) => 0 <= i < p.1 <= s.len() && s.subrange(i, p.1) == spec_quote(p.0),
            None => true,
        },
{
    if 0 <= i < s.len() && s[i] == '"' {
        lemma_qbody_sound(s, i + 1);
        match spec_parse_qbody(s, i + 1) {
            Some(p) => {
                assert(s.subrange(i, p.1) =~= seq!['"'] + s.subrange(i + 1, p.1));
                assert(s.subrange(i, p.1) =~= spec_quote(p.0));
            },
            None => {},
        }
    }
}

/// What the envelope parser accepts is exactly the canonical
/// serialization of what it returns: the wire form of an envelope is
/// unique.
pub proof fn lemma_parse_envelope_sound(s: Seq<char>)
    requires
        spec_parse_envelope(s) is Some,
    ensures
        spec_serialize(spec_parse_envelope(s)->0) == s,
{
    let d = spec_parse_envelope(s)->0;
    let p0 = lit_from().len() as int;
    let r1 = spec_parse_qstring(s, p0);
    lemma_qstring_sound(s, p0);
    let i1 = (r1->0).1;
    let p1 = i1 + lit_pwd().len();
    let r2 = spec_parse_qstring(s, p1);
    lemma_qstring_sound(s, p1);
    let i2 = (r2->0).1;
    let p2 = i2 + lit_token().len();
    let r3 = spec_parse_qstring(s, p2);
    lemma_qstring_sound(s, p2);
    let i3 = (r3->0).1;
    let p3 = i3 + lit_to().len();
    let r4 = spec_parse_qstring(s, p3);
    lemma_qstring_sound(s, p3);
    let i4 = (r4->0).1;
    let p4 = i4 + lit_content().len();
    let r5 = spec_parse_qstring(s, p4);
    lemma_qstring_sound(s, p4);
    let i5 = (r5->0).1;
    assert(s.subrange(0, p0) == lit_from());
    assert(s.subrange(i1, p1) == lit_pwd());
    assert(s.subrange(i2, p2) == lit_token());
    assert(s.subrange(i3, p3) == lit_to());
    assert(s.subrange(i4, p4) == lit_content());
    assert(s.subrange(i5, i5 + lit_close().len()) == lit_close());
    assert(i5 + lit_close().len() == s.len());
    assert(spec_serialize(d) =~= s);
}

/// The same for a credentials request: its wire form is unique.
pub proof fn lemma_parse_credentials_sound(s: Seq<char>)
    requires
        spec_parse_credentials(s) is Some,
    ensures
        spec_serialize_credentials(
            (spec_parse_credentials(s)->0).0,
            (spec_parse_credentials(s)->0).1,
        ) == s,
{
    let p0 = lit_user().len() as int;
    let r1 = spec_parse_qstring(s, p0);
    lemma_qstring_sound(s, p0);
    let i1 = (r1->0).1;
    let p1 = i1 + lit_pwd().len();
    let r2 = spec_parse_qstring(s, p1);
    lemma_qstring_sound(s, p1);
    let i2 = (r2->0).1;
    assert(s.subrange(0, p0) == lit_user());
    assert(s.subrange(i1, p1) == lit_pwd());
    assert(s.subrange(i2, i2 + lit_close().len()) == lit_close());
    assert(i2 + lit_close().len() == s.len());
    assert(spec_serialize_credentials(
        (spec_parse_credentials(s)->0).0,
        (spec_parse_credentials(s)->0).1,
    ) =~= s);
}

/// A parsed quoted string is shorter than the input it was read from.
proof fn lemma_qbody_len(s: Seq<char>, j: int)
    requires
        0 <= j <= s.len(),
    ensures
        match spec_parse_qbody(s, j) {
            Some(p) => j < p.1 <= s.len() && p.0.len() <= p.1 - j - 1,
            None => true,
        },
    decreases s.len() - j,
{
    if j < s.len() {
        if s[j] == '"' {
        } else if s[j] == '\\' {
            if j + 1 < s.len() && (s[j + 1] == '"' || s[j + 1] == '\\') {
                lemma_qbody_len(s, j + 2);
            }
        } else {
            lemma_qbody_len(s, j + 1);
        }
    }
}

/// Fields of a parsed credentials request are no longer than the
/// parsed text.
pub proof fn lemma_parse_credentials_len(s: Seq<char>)
    requires
        spec_parse_credentials(s) is Some,
    ensures
        (spec_parse_credentials(s)->0).0.len() <= s.len(),
        (spec_parse_credentials(s)->0).1.len() <= s.len(),
{
    lemma_qbody_len(s, lit_user().len() as int + 1);
    let r1 = spec_parse_qstring(s, lit_user().len() as int);
    let i1 = (r1->0).1;
    lemma_qbody_len(s, i1 + lit_pwd().len() + 1);
}

} // verus!
